//! The update check: which published release is newer, and which of its
//! files can be downloaded safely.
use crate::mount::{contains_text, occurs_in};
use crate::text::{
    chars_of, decimal, decimal_string, has_char, starts_with, str_equals, string_of, trim, trimmed,
    vec_starts_with,
};
use semver::Version;
use vstd::prelude::*;

verus! {

/// Where release downloads must come from.
pub const RELEASE_DOWNLOAD_PREFIX: &'static str = "https://github.com/moeleak/mtpdrive/releases/download/";

/// Whether `text` is a semantic version as the `semver` crate reads it.
pub uninterp spec fn is_semver(text: Seq<char>) -> bool;

/// Whether version `a` takes precedence over version `b` (both valid) by
/// the `semver` crate's ordering.
pub uninterp spec fn semver_newer(a: Seq<char>, b: Seq<char>) -> bool;

/// How the `semver` crate prints a valid version.
pub uninterp spec fn semver_text(text: Seq<char>) -> Seq<char>;

/// How the `semver` crate describes what is wrong with an invalid version
/// (the `Display` text of the error `Version::parse` gives).
pub uninterp spec fn semver_error_text(text: Seq<char>) -> Seq<char>;

/// `Version::parse` of the `semver` crate: no error exactly for a valid
/// version; otherwise the text of the crate's error.
#[verifier::external_body]
fn version_parse_error(text: &str) -> (r: Option<String>)
    ensures
        match r {
            None => is_semver(text@),
            Some(e) => !is_semver(text@) && e@ == semver_error_text(text@),
        },
{
    Version::parse(text).err().map(|error| error.to_string())
}

/// The `>` of `semver::Version` on two parsed versions.
#[verifier::external_body]
fn version_is_newer(latest: &str, current: &str) -> (r: bool)
    requires
        is_semver(latest@),
        is_semver(current@),
    ensures
        r == semver_newer(latest@, current@),
{
    match (Version::parse(latest), Version::parse(current)) {
        (Ok(a), Ok(b)) => a > b,
        _ => false,
    }
}

/// The `Display` text of a parsed `semver::Version`.
#[verifier::external_body]
fn version_text(text: &str) -> (r: String)
    requires
        is_semver(text@),
    ensures
        r@ == semver_text(text@),
{
    Version::parse(text).map(|version| version.to_string()).unwrap_or_default()
}

/// What the release JSON gives of a file: its name, download URL and size,
/// each where present with the right type.
#[derive(Debug, Clone, PartialEq, Eq)]
pub struct AssetFields {
    pub name: Option<String>,
    pub url: Option<String>,
    pub size: Option<u64>,
}

/// A downloadable release file.
#[derive(Debug, Clone, PartialEq, Eq)]
pub struct ReleaseAsset {
    pub name: String,
    pub url: String,
    pub size: u64,
}

impl ReleaseAsset {
    /// A copy of the file's description.
    pub fn duplicate(&self) -> (r: Self)
        ensures
            r == *self,
    {
        ReleaseAsset { name: self.name.clone(), url: self.url.clone(), size: self.size }
    }
}

/// The outcome of an update check.
#[derive(Debug, Clone, PartialEq, Eq)]
pub struct ReleaseCheck {
    pub latest_version: String,
    pub update_available: bool,
    pub asset: Option<ReleaseAsset>,
}

/// `c` in lower case when it is an ASCII capital.
pub open spec fn ascii_lower(c: char) -> char {
    if 'A' <= c && c <= 'Z' {
        ((c as u32) + 32) as char
    } else {
        c
    }
}

/// `s` with ASCII capitals in lower case.
pub open spec fn ascii_lowercase(s: Seq<char>) -> Seq<char> {
    s.map_values(|c: char| ascii_lower(c))
}

/// Whether a name is a plain file name: not empty, no slash, and neither
/// `.` nor `..`.
pub open spec fn plain_file_name(name: Seq<char>) -> bool {
    name.len() > 0 && !has_char(name, '/') && name != "."@ && name != ".."@
}

/// Whether `s` ends with `suffix`.
pub open spec fn ends_with(s: Seq<char>, suffix: Seq<char>) -> bool {
    suffix.len() <= s.len() && s.subrange(s.len() - suffix.len(), s.len() as int) == suffix
}

/// Whether a release file can be offered: a plain file name ending in
/// `.dmg` (in any case), a download URL of this project's releases, and a
/// size above zero.
pub open spec fn usable_asset(asset: AssetFields) -> bool {
    match (asset.name, asset.url, asset.size) {
        (Some(name), Some(url), Some(size)) => plain_file_name(name@) && ends_with(
            ascii_lowercase(name@),
            ".dmg"@,
        ) && starts_with(url@, RELEASE_DOWNLOAD_PREFIX@) && size > 0,
        _ => false,
    }
}

/// Whether a usable release file is the universal build.
pub open spec fn universal_asset(asset: AssetFields) -> bool {
    usable_asset(asset) && occurs_in(ascii_lowercase(asset.name->0@), "universal"@)
}

/// The position of the last usable file (the last universal one when
/// `universal`).
pub open spec fn last_asset(assets: Seq<AssetFields>, universal: bool) -> Option<int>
    decreases assets.len(),
{
    if assets.len() == 0 {
        None
    } else if (if universal {
        universal_asset(assets.last())
    } else {
        usable_asset(assets.last())
    }) {
        Some(assets.len() - 1)
    } else {
        last_asset(assets.drop_last(), universal)
    }
}

/// The file offered for download: the last universal build, or else the
/// last usable file.
pub open spec fn chosen_asset(assets: Seq<AssetFields>) -> Option<int> {
    match last_asset(assets, true) {
        Some(i) => Some(i),
        None => last_asset(assets, false),
    }
}

proof fn lemma_last_asset_bounds(assets: Seq<AssetFields>, universal: bool)
    ensures
        last_asset(assets, universal) matches Some(k) ==> 0 <= k < assets.len() && usable_asset(
            assets[k],
        ),
    decreases assets.len(),
{
    if assets.len() > 0 {
        lemma_last_asset_bounds(assets.drop_last(), universal);
        if let Some(k) = last_asset(assets.drop_last(), universal) {
            assert(assets.drop_last()[k] == assets[k]);
        }
    }
}

fn lowercase_chars(s: &String) -> (r: Vec<char>)
    ensures
        r@ == ascii_lowercase(s@),
{
    let v = chars_of(s.as_str());
    let mut r: Vec<char> = Vec::new();
    let mut i: usize = 0;
    while i < v.len()
        invariant
            v@ == s@,
            i <= v@.len(),
            r@ == ascii_lowercase(v@.subrange(0, i as int)),
        decreases v.len() - i,
    {
        let c = v[i];
        let d = if 'A' <= c && c <= 'Z' {
            ((c as u32 + 32) as u8) as char
        } else {
            c
        };
        proof {
            assert(d == ascii_lower(c));
        }
        r.push(d);
        i = i + 1;
        proof {
            assert(r@ =~= ascii_lowercase(v@.subrange(0, i as int)));
        }
    }
    proof {
        assert(v@.subrange(0, v@.len() as int) =~= v@);
    }
    r
}

fn is_plain_file_name(name: &String) -> (r: bool)
    ensures
        r == plain_file_name(name@),
{
    let v = chars_of(name.as_str());
    if v.len() == 0 || str_equals(name.as_str(), ".") || str_equals(name.as_str(), "..") {
        return false;
    }
    let mut i: usize = 0;
    while i < v.len()
        invariant
            v@ == name@,
            i <= v@.len(),
            forall|k: int| 0 <= k < i ==> v@[k] != '/',
        decreases v.len() - i,
    {
        if v[i] == '/' {
            proof {
                assert(name@[i as int] == '/');
            }
            return false;
        }
        i = i + 1;
    }
    true
}

fn ends_with_dmg(v: &Vec<char>) -> (r: bool)
    ensures
        r == ends_with(v@, ".dmg"@),
{
    proof {
        reveal_strlit(".dmg");
    }
    let n = v.len();
    if n < 4 {
        return false;
    }
    let same = v[n - 4] == '.' && v[n - 3] == 'd' && v[n - 2] == 'm' && v[n - 1] == 'g';
    proof {
        let tail = v@.subrange(n - 4, n as int);
        if same {
            assert(tail =~= ".dmg"@);
        } else {
            if tail == ".dmg"@ {
                assert(tail[0] == v@[n - 4]);
                assert(tail[1] == v@[n - 3]);
                assert(tail[2] == v@[n - 2]);
                assert(tail[3] == v@[n - 1]);
            }
        }
    }
    same
}

fn is_usable(asset: &AssetFields) -> (r: (bool, bool))
    ensures
        r.0 == usable_asset(*asset),
        r.1 == universal_asset(*asset),
{
    match (&asset.name, &asset.url, &asset.size) {
        (Some(name), Some(url), Some(size)) => {
            let lower = lowercase_chars(name);
            let url_chars = chars_of(url.as_str());
            let usable = is_plain_file_name(name) && ends_with_dmg(&lower) && vec_starts_with(
                &url_chars,
                RELEASE_DOWNLOAD_PREFIX,
            ) && *size > 0;
            if !usable {
                return (false, false);
            }
            let lower_name = string_of(&lower);
            (true, contains_text(lower_name.as_str(), "universal"))
        },
        _ => (false, false),
    }
}

/// The file offered for download (see `chosen_asset`).
pub fn select_dmg_asset(assets: &Vec<AssetFields>) -> (r: Option<ReleaseAsset>)
    ensures
        match chosen_asset(assets@) {
            Some(i) => r matches Some(a) && Some(a.name) == assets@[i].name && Some(a.url)
                == assets@[i].url && Some(a.size) == assets@[i].size,
            None => r is None,
        },
{
    let mut universal: Option<usize> = None;
    let mut usable: Option<usize> = None;
    let mut i: usize = 0;
    proof {
        assert(assets@.subrange(0, 0) =~= Seq::<AssetFields>::empty());
    }
    while i < assets.len()
        invariant
            i <= assets@.len(),
            universal == match last_asset(assets@.subrange(0, i as int), true) {
                Some(k) => Some(k as usize),
                None => None::<usize>,
            },
            usable == match last_asset(assets@.subrange(0, i as int), false) {
                Some(k) => Some(k as usize),
                None => None::<usize>,
            },
            universal matches Some(k) ==> k < i,
            usable matches Some(k) ==> k < i,
        decreases assets.len() - i,
    {
        let (ok, best) = is_usable(&assets[i]);
        proof {
            lemma_last_asset_bounds(assets@.subrange(0, i as int), true);
            lemma_last_asset_bounds(assets@.subrange(0, i as int), false);
            let p = assets@.subrange(0, i + 1);
            assert(p.drop_last() =~= assets@.subrange(0, i as int));
            assert(p.last() == assets@[i as int]);
        }
        if ok {
            usable = Some(i);
        }
        if best {
            universal = Some(i);
        }
        i = i + 1;
    }
    proof {
        assert(assets@.subrange(0, assets@.len() as int) =~= assets@);
        lemma_last_asset_bounds(assets@, true);
        lemma_last_asset_bounds(assets@, false);
    }
    let pick = match universal {
        Some(k) => Some(k),
        None => usable,
    };
    match pick {
        Some(k) => {
            let a = &assets[k];
            match (&a.name, &a.url, &a.size) {
                (Some(name), Some(url), Some(size)) => Some(
                    ReleaseAsset { name: name.clone(), url: url.clone(), size: *size },
                ),
                _ => None,
            }
        },
        None => None,
    }
}

/// A release tag without its leading `v`s (either case).
pub open spec fn without_v(tag: Seq<char>) -> Seq<char>
    decreases tag.len(),
{
    if tag.len() > 0 && (tag[0] == 'v' || tag[0] == 'V') {
        without_v(tag.drop_first())
    } else {
        tag
    }
}

fn strip_v(tag: &String) -> (r: String)
    ensures
        r@ == without_v(tag@),
{
    let v = chars_of(tag.as_str());
    let mut i: usize = 0;
    proof {
        assert(v@.subrange(0, v@.len() as int) =~= v@);
    }
    while i < v.len() && (v[i] == 'v' || v[i] == 'V')
        invariant
            v@ == tag@,
            i <= v@.len(),
            without_v(tag@) == without_v(v@.subrange(i as int, v@.len() as int)),
        decreases v.len() - i,
    {
        proof {
            let rest = v@.subrange(i as int, v@.len() as int);
            assert(rest[0] == v@[i as int]);
            assert(rest.drop_first() =~= v@.subrange(i + 1, v@.len() as int));
        }
        i = i + 1;
    }
    proof {
        let rest = v@.subrange(i as int, v@.len() as int);
        if i < v@.len() {
            assert(rest[0] == v@[i as int]);
        }
    }
    crate::text::string_of_range(&v, i, v.len())
}

/// The message for a release without a tag.
pub const NO_TAG_MESSAGE: &'static str = "the release did not include a tag name";

/// The message for a newer release without a usable file.
pub const NO_ASSET_MESSAGE: &'static str = "the release does not contain a valid DMG asset";

/// Compares the latest release (its tag and files, as the release JSON
/// gives them) with the running version `current_version`.
pub fn release_check(tag: Option<String>, assets: &Vec<AssetFields>, current_version: &str) -> (r:
    Result<ReleaseCheck, String>)
    ensures
        match tag {
            None => r matches Err(m) && m@ == NO_TAG_MESSAGE@,
            Some(t) => {
                let latest = without_v(t@);
                if !is_semver(latest) {
                    r matches Err(m) && m@ == semver_error_text(latest)
                } else if !is_semver(current_version@) {
                    r matches Err(m) && m@ == semver_error_text(current_version@)
                } else {
                    let newer = semver_newer(latest, current_version@);
                    if newer && chosen_asset(assets@) is None {
                        r matches Err(m) && m@ == NO_ASSET_MESSAGE@
                    } else {
                        r matches Ok(check) && check.latest_version@ == semver_text(latest)
                            && check.update_available == newer && (check.asset is Some) == newer
                            && (newer ==> {
                            let i = chosen_asset(assets@)->0;
                            &&& Some(check.asset->0.name) == assets@[i].name
                            &&& Some(check.asset->0.url) == assets@[i].url
                            &&& Some(check.asset->0.size) == assets@[i].size
                        })
                    }
                }
            },
        },
{
    let tag = match tag {
        Some(t) => t,
        None => {
            return Err(String::from_str(NO_TAG_MESSAGE));
        },
    };
    let latest = strip_v(&tag);
    if let Some(error) = version_parse_error(latest.as_str()) {
        return Err(error);
    }
    if let Some(error) = version_parse_error(current_version) {
        return Err(error);
    }
    let newer = version_is_newer(latest.as_str(), current_version);
    let asset = if newer {
        match select_dmg_asset(assets) {
            Some(a) => Some(a),
            None => {
                return Err(String::from_str(NO_ASSET_MESSAGE));
            },
        }
    } else {
        None
    };
    Ok(ReleaseCheck { latest_version: version_text(latest.as_str()), update_available: newer, asset })
}

/// The progress a download reports when its partial file holds `len`
/// bytes: the size so far, capped at the expected size, and only when it
/// changed since the last report.
pub fn download_progress(len: u64, expected: u64, last: u64) -> (r: Option<u64>)
    ensures
        ({
            let downloaded = if len < expected {
                len
            } else {
                expected
            };
            r == (if downloaded != last {
                Some(downloaded)
            } else {
                None
            })
        }),
{
    let downloaded = if len < expected {
        len
    } else {
        expected
    };
    if downloaded != last {
        Some(downloaded)
    } else {
        None
    }
}

/// The message for a download of the wrong size.
pub open spec fn size_mismatch_text(actual: u64, expected: u64) -> Seq<char> {
    "the DMG size was "@ + decimal(actual as nat) + " bytes; expected "@ + decimal(expected as nat)
        + " bytes"@
}

/// Accepts a finished download only at the size the release announced.
pub fn check_download_size(actual: u64, expected: u64) -> (r: Result<(), String>)
    ensures
        actual == expected ==> r is Ok,
        actual != expected ==> (r matches Err(m) && m@ == size_mismatch_text(actual, expected)),
{
    if actual == expected {
        return Ok(());
    }
    let mut m = String::from_str("the DMG size was ");
    let a = decimal_string(actual);
    m.append(a.as_str());
    m.append(" bytes; expected ");
    let e = decimal_string(expected);
    m.append(e.as_str());
    m.append(" bytes");
    Err(m)
}

/// The error of a failed request for the latest release: what curl
/// printed, trimmed, or else its exit status (`status` as the system
/// describes it).
pub fn release_request_error(stderr: &str, status: &str) -> (r: String)
    ensures
        r@ == (if trim(stderr@).len() == 0 {
            "curl exited with "@ + status@
        } else {
            trim(stderr@)
        }),
{
    let detail = trimmed(stderr);
    if detail.unicode_len() == 0 {
        let mut m = String::from_str("curl exited with ");
        m.append(status);
        m
    } else {
        detail
    }
}

} // verus!
