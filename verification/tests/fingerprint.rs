use diskwatch::utils::{md5_cal, sha1_cal};

#[test]
fn md5_of_empty_content() {
    assert_eq!(md5_cal(b""), "d41d8cd98f00b204e9800998ecf8427e");
}

#[test]
fn md5_of_known_content() {
    assert_eq!(md5_cal(b"x"), "9dd4e461268c8034f5c8564e155c67a6");
    assert_eq!(md5_cal(b"hello"), "5d41402abc4b2a76b9719d911017c592");
}

#[test]
fn sha1_of_empty_content() {
    assert_eq!(sha1_cal(b""), "da39a3ee5e6b4b0d3255bfef95601890afd80709");
}

#[test]
fn sha1_of_known_content() {
    assert_eq!(sha1_cal(b"x"), "11f6ad8ec52a2984abaafd7c3b516503785c2072");
    assert_eq!(sha1_cal(b"hello"), "aaf4c61ddcc5e8a2dabede0f3b482cd9aea9434d");
}

#[test]
fn digests_tell_contents_apart() {
    assert_ne!(md5_cal(b"x"), md5_cal(b"y"));
    assert_ne!(sha1_cal(b"x"), sha1_cal(b"y"));
    assert_eq!(md5_cal(b"y"), "415290769594460e2e485922904f345d");
    assert_eq!(sha1_cal(b"y"), "95cb0bfd2977c761298d9624e4b4d4c72a39974a");
}

#[test]
fn digests_of_a_long_input() {
    let data = vec![b'a'; 1_000_000];
    assert_eq!(md5_cal(&data), "7707d6ae4e027c70eea2a935c2296f21");
    assert_eq!(sha1_cal(&data), "34aa973cd4c4daa4f61eeb2bdbad27316534016f");
}
