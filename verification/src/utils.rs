//! Fingerprints of content, the clock, and the lines of the log.

use chrono::Utc;
use crypto::digest::Digest;
use crypto::md5::Md5;
use crypto::sha1::Sha1;
use vstd::prelude::*;
use vstd::string::StringExecFns;

verus! {

/// The MD5 digest of `data`, as lower-case hexadecimal text.
pub uninterp spec fn md5_hex(data: Seq<u8>) -> Seq<char>;

/// The SHA-1 digest of `data`, as lower-case hexadecimal text.
pub uninterp spec fn sha1_hex(data: Seq<u8>) -> Seq<char>;

/// The longest input, in bytes, whose length in bits SHA-1 can still count.
pub open spec fn sha1_limit() -> int {
    0x2000_0000_0000_0000
}

/// The MD5 half of the fingerprint of empty content. Entries of folders and
/// of deletions carry it, and so do files that could not be read.
pub open spec fn empty_md5() -> Seq<char> {
    md5_hex(Seq::<u8>::empty())
}

/// The SHA-1 half of the fingerprint of empty content.
pub open spec fn empty_sha1() -> Seq<char> {
    sha1_hex(Seq::<u8>::empty())
}

/// Feeds `data` to a fresh `crypto::md5::Md5` through `Digest::input` and
/// reads the digest with `Digest::result_str`. Trusted: the text returned is
/// a function of the bytes alone, here called `md5_hex`.
#[verifier::external_body]
pub fn md5_cal(data: &[u8]) -> (digest: String)
    ensures
        digest@ == md5_hex(data@),
{
    let mut md5_hasher = Md5::new();
    md5_hasher.input(data);
    md5_hasher.result_str()
}

/// Feeds `data` to a fresh `crypto::sha1::Sha1` through `Digest::input` and
/// reads the digest with `Digest::result_str`. Trusted: the text returned is
/// a function of the bytes alone, here called `sha1_hex`. The hasher counts
/// its input in bits in a `u64` and panics when that count overflows, so the
/// input must stay under `sha1_limit()` bytes.
#[verifier::external_body]
pub fn sha1_cal(data: &[u8]) -> (digest: String)
    requires
        data@.len() < sha1_limit(),
    ensures
        digest@ == sha1_hex(data@),
{
    let mut sha1_hasher = Sha1::new();
    sha1_hasher.input(data);
    sha1_hasher.result_str()
}

/// Whether `data` is short enough for [`sha1_cal`], and so for a
/// fingerprint.
pub fn can_fingerprint(data: &[u8]) -> (short: bool)
    ensures
        short == (data@.len() < sha1_limit()),
{
    (data.len() as u64) < 0x2000_0000_0000_0000u64
}

/// A line of the log: the moment as text, a dash, and what is reported.
pub fn log_line(stamp: &str, text: &str) -> (line: String)
    ensures
        line@ == stamp@ + " - "@ + text@,
{
    let mut line = stamp.to_owned();
    line.append(" - ");
    line.append(text);
    line
}

/// Reads the wall clock with `chrono::Utc::now` and gives the moment as
/// milliseconds since the Unix epoch (`DateTime::timestamp_millis`). Trusted
/// only to return, which chrono does wherever the system clock stands at or
/// after the start of 1970; nothing is claimed of the value, which the clock
/// decides.
#[verifier::external_body]
pub(crate) fn now_millis() -> i64 {
    Utc::now().timestamp_millis()
}

} // verus!
