//! Versions of client and server.

use vstd::prelude::*;

use crate::protocol::GameEvent;
use crate::text::chars_of;

verus! {

/// A version in its components.
#[derive(Debug)]
pub struct Release {
    pub major: u64,
    pub minor: u64,
    pub patch: u64,
    pub pre: String,
    pub build: String,
}

/// A version in its components: three numbers, the pre-release and the build identifiers.
pub struct ReleaseView {
    pub major: u64,
    pub minor: u64,
    pub patch: u64,
    pub pre: Seq<char>,
    pub build: Seq<char>,
}

impl View for Release {
    type V = ReleaseView;

    open spec fn view(&self) -> ReleaseView {
        ReleaseView {
            major: self.major,
            minor: self.minor,
            patch: self.patch,
            pre: self.pre@,
            build: self.build@,
        }
    }
}

/// What a version text stands for, if it is one.
pub uninterp spec fn parsed_release(text: Seq<char>) -> Option<ReleaseView>;

/// `semver::Version::parse`: the components of a version text, nothing if it is none.
#[verifier::external_body]
fn parse_release(text: &str) -> (r: Option<Release>)
    ensures
        parsed_release(text@) is Some <==> r is Some,
        r matches Some(v) ==> parsed_release(text@) == Some(v@),
{
    let v = semver::Version::parse(text).ok()?;
    Some(Release {
        major: v.major,
        minor: v.minor,
        patch: v.patch,
        pre: v.pre.as_str().to_string(),
        build: v.build.as_str().to_string(),
    })
}

/// Whether of two versions with the same numbers the first is later, by their pre-release and
/// build identifiers.
pub uninterp spec fn later_identifiers(
    pre: Seq<char>,
    build: Seq<char>,
    other_pre: Seq<char>,
    other_build: Seq<char>,
) -> bool;

/// Whether the version `a` is later than `b`: the numbers decide from left to right, and the
/// identifiers where all numbers are equal.
pub open spec fn later(a: ReleaseView, b: ReleaseView) -> bool {
    if a.major != b.major {
        a.major > b.major
    } else if a.minor != b.minor {
        a.minor > b.minor
    } else if a.patch != b.patch {
        a.patch > b.patch
    } else {
        later_identifiers(a.pre, a.build, b.pre, b.build)
    }
}

/// `>` on `semver::Version`: major, minor and patch are compared as numbers in this order, and
/// where they are equal the identifiers decide. A version is not later than itself. An identifier
/// that is not well formed counts as absent.
#[verifier::external_body]
fn is_later(a: &Release, b: &Release) -> (r: bool)
    ensures
        r == (if a.major != b.major {
            a.major > b.major
        } else if a.minor != b.minor {
            a.minor > b.minor
        } else if a.patch != b.patch {
            a.patch > b.patch
        } else {
            later_identifiers(a.pre@, a.build@, b.pre@, b.build@)
        }),
        a@ == b@ ==> !r,
{
    let version = |v: &Release| semver::Version {
        major: v.major,
        minor: v.minor,
        patch: v.patch,
        pre: semver::Prerelease::new(v.pre.as_str()).unwrap_or(semver::Prerelease::EMPTY),
        build: semver::BuildMetadata::new(v.build.as_str()).unwrap_or(semver::BuildMetadata::EMPTY),
    };
    version(a) > version(b)
}

/// The version of which nothing else is known.
pub open spec fn no_release() -> ReleaseView {
    ReleaseView { major: 0, minor: 0, patch: 0, pre: Seq::empty(), build: Seq::empty() }
}

/// The own version; the lowest one where the text is none.
pub open spec fn own_release(parsed: Option<ReleaseView>) -> ReleaseView {
    match parsed {
        Some(v) => v,
        None => no_release(),
    }
}

fn own_or_lowest(parsed: Option<Release>) -> (r: Release)
    ensures
        r@ == own_release(
            match parsed {
                Some(v) => Some(v@),
                None => None,
            },
        ),
{
    match parsed {
        Some(v) => v,
        None => {
            let r = Release { major: 0, minor: 0, patch: 0, pre: String::new(), build: String::new() };
            assert(r@.pre =~= Seq::<char>::empty());
            assert(r@.build =~= Seq::<char>::empty());
            r
        },
    }
}

/// Whether client and server understand each other: same major and minor version.
pub open spec fn compatible(server: Option<ReleaseView>, own: Option<ReleaseView>) -> bool {
    match server {
        Some(v) => v.major == own_release(own).major && v.minor == own_release(own).minor,
        None => false,
    }
}

/// Whether a release is one to update to.
pub open spec fn is_update(latest: Option<ReleaseView>, own: Option<ReleaseView>) -> bool {
    match latest {
        Some(v) => later(v, own_release(own)),
        None => false,
    }
}

/// What the components of a version text are, if it is one.
pub open spec fn components(v: Option<Release>) -> Option<ReleaseView> {
    match v {
        Some(v) => Some(v@),
        None => None,
    }
}

/// Whether client and server understand each other, from the components of their versions.
pub fn releases_match(server: Option<Release>, own: Option<Release>) -> (r: bool)
    ensures
        r == compatible(components(server), components(own)),
{
    let own: Release = own_or_lowest(own);
    match server {
        Some(v) => v.major == own.major && v.minor == own.minor,
        None => false,
    }
}

/// Whether a release is one to update to, from the components of the versions.
pub fn is_newer(latest: Option<Release>, own: Option<Release>) -> (r: bool)
    ensures
        r == is_update(components(latest), components(own)),
        components(latest) == components(own) ==> !r,
{
    let own: Release = own_or_lowest(own);
    match latest {
        Some(v) => is_later(&v, &own),
        None => false,
    }
}

/// Whether a server of version `server` and a client of version `own` understand each other.
pub fn versions_match(server: &str, own: &str) -> (r: bool)
    ensures
        r == compatible(parsed_release(server@), parsed_release(own@)),
{
    releases_match(parse_release(server), parse_release(own))
}

/// Whether `latest` is a version to update to from `own`.
pub fn update_available(latest: &str, own: &str) -> (r: bool)
    ensures
        r == is_update(parsed_release(latest@), parsed_release(own@)),
        latest@ == own@ ==> !r,
{
    is_newer(parse_release(latest), parse_release(own))
}

/// Whether the client can go on with a server.
#[derive(Debug)]
pub enum CompatResult {
    Compatible,
    Incompatible { server_version: String },
}

/// Where the version check stands after an event from the server.
#[derive(Debug)]
pub enum VersionCheck {
    /// The server named its version.
    Done(CompatResult),
    /// Something else came first.
    Waiting,
    /// The server disconnected before the version exchange.
    Disconnected,
}

/// Decides whether to go on with a server, from the next thing that it sends.
pub fn check_server_version(event: Option<GameEvent>, own: &str) -> (r: VersionCheck)
    ensures
        match event {
            Some(GameEvent::ServerVersionEvent { version }) => if compatible(
                parsed_release(version@),
                parsed_release(own@),
            ) {
                r == VersionCheck::Done(CompatResult::Compatible)
            } else {
                r == VersionCheck::Done(CompatResult::Incompatible { server_version: version })
            },
            Some(_) => r == VersionCheck::Waiting,
            None => r == VersionCheck::Disconnected,
        },
{
    match event {
        Some(GameEvent::ServerVersionEvent { version }) => {
            if versions_match(version.as_str(), own) {
                VersionCheck::Done(CompatResult::Compatible)
            } else {
                VersionCheck::Done(CompatResult::Incompatible { server_version: version })
            }
        },
        Some(_) => VersionCheck::Waiting,
        None => VersionCheck::Disconnected,
    }
}

/// A tag without the letters `v` that it starts with.
pub open spec fn tag_version(tag: Seq<char>) -> Seq<char>
    decreases tag.len(),
{
    if tag.len() > 0 && tag[0] == 'v' {
        tag_version(tag.drop_first())
    } else {
        tag
    }
}

/// The version that a release tag names.
pub fn release_version(tag: &str) -> (r: String)
    ensures
        r@ == tag_version(tag@),
{
    let chars: Vec<char> = chars_of(tag);
    let mut i: usize = 0;
    assert(tag@.skip(0) =~= tag@);
    while i < chars.len() && chars[i] == 'v'
        invariant
            i <= chars.len(),
            chars@ == tag@,
            tag_version(tag@) == tag_version(tag@.skip(i as int)),
        decreases chars.len() - i,
    {
        assert(tag@.skip(i as int).drop_first() =~= tag@.skip(i + 1));
        i = i + 1;
    }
    let ghost rest = tag@.skip(i as int);
    let mut r: String = String::new();
    let mut j: usize = i;
    assert(r@ =~= tag@.subrange(i as int, i as int));
    while j < chars.len()
        invariant
            i <= j <= chars.len(),
            chars@ == tag@,
            r@ == tag@.subrange(i as int, j as int),
        decreases chars.len() - j,
    {
        r.push(chars[j]);
        j = j + 1;
        assert(r@ =~= tag@.subrange(i as int, j as int));
    }
    assert(r@ =~= rest);
    r
}

/// Versions that differ in patch or identifiers alone understand each other.
pub proof fn lemma_patches_are_compatible(server: ReleaseView, own: ReleaseView)
    ensures
        compatible(Some(server), Some(own)) <==> server.major == own.major && server.minor
            == own.minor,
        compatible(Some(server), Some(own)) <==> compatible(Some(own), Some(server)),
{
}

} // verus!
