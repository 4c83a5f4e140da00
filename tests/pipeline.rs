use registry_tags::image::{contains_slash, prepare_image, tags_url, token_url};
use registry_tags::precedence::{key_lt, precedence_key_of, precedes};
use registry_tags::rank::{latest_tags, rank, tags_of, RankConfig};
use registry_tags::registry::{check_status, RegistryError};
use registry_tags::version::{strip_v, tag_to_version, tags_to_versions, ParsedVersion, SemVer};

fn strings(v: &[&str]) -> Vec<String> {
    v.iter().map(|s| s.to_string()).collect()
}

fn config(count: usize, include_prerelease: bool) -> RankConfig {
    RankConfig { count, include_prerelease }
}

fn version(text: &str) -> SemVer {
    tag_to_version(text.to_string()).expect("a version").version
}

#[test]
fn bare_name_gets_library_namespace() {
    assert_eq!(prepare_image("nginx"), "library/nginx");
    assert_eq!(prepare_image("myorg/myapp"), "myorg/myapp");
}

#[test]
fn normalized_name_has_one_slash() {
    for name in ["redis", "a", "alpine"] {
        let r = prepare_image(name);
        assert_eq!(r.matches('/').count(), 1);
        assert_eq!(r, format!("library/{name}"));
    }
    for name in ["a/b", "x/y/z", "/lead"] {
        assert_eq!(prepare_image(name), name);
    }
}

#[test]
fn slash_detection() {
    assert!(contains_slash("a/b"));
    assert!(!contains_slash("nginx"));
    assert!(!contains_slash(""));
}

#[test]
fn endpoint_addresses() {
    assert_eq!(
        token_url("library/nginx"),
        "https://auth.docker.io/token?service=registry.docker.io&scope=repository:library/nginx:pull"
    );
    assert_eq!(tags_url("library/nginx"), "https://registry-1.docker.io/v2/library/nginx/tags/list");
}

#[test]
fn one_leading_v_is_stripped() {
    assert_eq!(strip_v("v1.2.3"), "1.2.3");
    assert_eq!(strip_v("vv1.2.3"), "v1.2.3");
    assert_eq!(strip_v("1.2.3"), "1.2.3");
    assert_eq!(strip_v(""), "");
}

#[test]
fn tags_read_as_versions() {
    let p = tag_to_version("v1.3.0-rc1".to_string()).unwrap();
    assert_eq!(p.tag, "v1.3.0-rc1");
    assert_eq!((p.version.major, p.version.minor, p.version.patch), (1, 3, 0));
    assert_eq!(p.version.pre, "rc1");
    let q = tag_to_version("10.20.30+build.5".to_string()).unwrap();
    assert_eq!((q.version.major, q.version.minor, q.version.patch), (10, 20, 30));
    assert_eq!(q.version.pre, "");
    assert!(tag_to_version("latest".to_string()).is_none());
    assert!(tag_to_version("nightly".to_string()).is_none());
    assert!(tag_to_version("vv1.0.0".to_string()).is_none());
    assert!(tag_to_version("1.0".to_string()).is_none());
    assert!(tag_to_version("".to_string()).is_none());
}

#[test]
fn extraction_keeps_order_and_drops_non_versions() {
    let out = tags_to_versions(strings(&["v1.2.0", "latest", "1.0.0", "abc123", "v2.0.0-beta.1"]));
    let tags: Vec<&str> = out.iter().map(|p| p.tag.as_str()).collect();
    assert_eq!(tags, vec!["v1.2.0", "1.0.0", "v2.0.0-beta.1"]);
    assert!(tags_to_versions(Vec::new()).is_empty());
}

#[test]
fn extraction_ignores_tag_order() {
    let a = strings(&["v1.2.0", "latest", "v1.3.0", "v1.2.0"]);
    let b = strings(&["v1.3.0", "v1.2.0", "v1.2.0", "latest"]);
    let key = |v: Vec<ParsedVersion>| {
        let mut k: Vec<(String, u64, u64, u64, String)> = v
            .into_iter()
            .map(|p| (p.tag, p.version.major, p.version.minor, p.version.patch, p.version.pre))
            .collect();
        k.sort();
        k.dedup();
        k
    };
    assert_eq!(key(tags_to_versions(a.clone())), key(tags_to_versions(b)));
    assert_eq!(key(tags_to_versions(a.clone())), key(tags_to_versions(a)));
}

#[test]
fn v_prefix_round_trip() {
    for tag in ["v1.2.3", "v0.0.1-alpha", "v10.0.0+meta"] {
        let stripped = strip_v(tag);
        assert!(tag_to_version(tag.to_string()).is_some());
        assert_eq!(format!("v{stripped}"), tag);
    }
}

#[test]
fn precedence_follows_semver() {
    let chain = [
        "1.0.0-alpha",
        "1.0.0-alpha.1",
        "1.0.0-alpha.beta",
        "1.0.0-beta",
        "1.0.0-beta.2",
        "1.0.0-beta.11",
        "1.0.0-rc.1",
        "1.0.0",
        "1.0.1",
        "1.1.0",
        "2.0.0",
    ];
    for i in 0..chain.len() {
        for j in 0..chain.len() {
            assert_eq!(precedes(&version(chain[i]), &version(chain[j])), i < j, "{} {}", chain[i], chain[j]);
        }
    }
    assert!(precedes(&version("1.0.0-rc.9"), &version("1.0.0-rc.10")));
    assert!(!precedes(&version("1.0.0+a"), &version("1.0.0+b")));
    assert!(!precedes(&version("1.0.0+b"), &version("1.0.0+a")));
}

#[test]
fn precedence_key_values() {
    assert_eq!(precedence_key_of(&version("1.2.3")), vec![1, 2, 3, 1]);
    assert_eq!(
        precedence_key_of(&version("1.2.3-rc.10")),
        vec![1, 2, 3, 0, 2, 'r' as u64 + 1, 'c' as u64 + 1, 0, 1, 2, '1' as u64 + 1, '0' as u64 + 1, 0]
    );
    assert!(key_lt(&vec![1, 2], &vec![1, 3]));
    assert!(key_lt(&vec![1], &vec![1, 0]));
    assert!(!key_lt(&vec![1, 0], &vec![1]));
    assert!(!key_lt(&vec![], &vec![]));
}

#[test]
fn scenario_releases_only() {
    let tags = strings(&["v1.2.0", "v1.3.0", "latest", "v1.3.0-rc1", "v1.1.0"]);
    assert_eq!(latest_tags(tags, &config(3, false)), strings(&["v1.3.0", "v1.2.0", "v1.1.0"]));
}

#[test]
fn scenario_with_prereleases() {
    let tags = strings(&["v1.3.0-rc1", "v1.2.0"]);
    assert_eq!(latest_tags(tags, &config(3, true)), strings(&["v1.3.0-rc1", "v1.2.0"]));
}

#[test]
fn scenario_no_versions() {
    let tags = strings(&["latest", "nightly"]);
    assert!(latest_tags(tags.clone(), &config(3, false)).is_empty());
    assert!(latest_tags(tags, &config(3, true)).is_empty());
    assert!(latest_tags(Vec::new(), &RankConfig::default()).is_empty());
}

#[test]
fn default_config_is_three_releases() {
    let c = RankConfig::default();
    assert_eq!(c.count, 3);
    assert!(!c.include_prerelease);
}

#[test]
fn ranking_size_is_min_of_count_and_eligible() {
    let tags = strings(&["1.0.0", "2.0.0-rc.1", "1.5.0", "0.9.0", "3.0.0-alpha"]);
    for n in 0..7 {
        let all = rank(tags_to_versions(tags.clone()), true, n);
        assert_eq!(all.len(), n.min(5));
        let releases = rank(tags_to_versions(tags.clone()), false, n);
        assert_eq!(releases.len(), n.min(3));
    }
}

#[test]
fn ranking_is_descending() {
    let tags = strings(&["0.1.0", "v2.0.0", "1.0.0-beta.11", "1.0.0-beta.2", "1.0.0", "v0.10.0", "2.0.0-rc.1"]);
    let ranked = rank(tags_to_versions(tags), true, 10);
    assert_eq!(
        tags_of(&ranked),
        strings(&["v2.0.0", "2.0.0-rc.1", "1.0.0", "1.0.0-beta.11", "1.0.0-beta.2", "v0.10.0", "0.1.0"])
    );
    for i in 0..ranked.len() {
        for j in i + 1..ranked.len() {
            assert!(!precedes(&ranked[i].version, &ranked[j].version));
        }
    }
}

#[test]
fn equal_precedence_keeps_input_order() {
    let tags = strings(&["1.0.0+b", "v1.0.0", "1.0.0+a", "0.5.0"]);
    let ranked = rank(tags_to_versions(tags), false, 3);
    assert_eq!(tags_of(&ranked), strings(&["1.0.0+b", "v1.0.0", "1.0.0+a"]));
}

#[test]
fn duplicate_tags_are_tolerated() {
    let tags = strings(&["v1.0.0", "v1.0.0", "v0.9.0"]);
    assert_eq!(latest_tags(tags, &config(3, false)), strings(&["v1.0.0", "v1.0.0", "v0.9.0"]));
}

#[test]
fn success_status_passes_body() {
    assert!(matches!(check_status(200, "{}".to_string()), Ok(b) if b == "{}"));
    assert!(matches!(check_status(204, String::new()), Ok(_)));
}

#[test]
fn unauthorized_is_status_error() {
    match check_status(401, "denied".to_string()) {
        Err(RegistryError::HttpStatus(s, b)) => {
            assert_eq!(s, 401);
            assert_eq!(b, "denied");
        }
        _ => panic!("expected a status error"),
    }
    assert!(matches!(check_status(404, String::new()), Err(RegistryError::HttpStatus(404, _))));
    assert!(matches!(check_status(199, String::new()), Err(RegistryError::HttpStatus(199, _))));
    assert!(matches!(check_status(300, String::new()), Err(RegistryError::HttpStatus(300, _))));
}
